//! Addition and subtraction of decimals.
//!
//! The exact result is formed over the larger of the two scales; when its mantissa
//! needs more than 96 bits, as few trailing digits as possible are rounded off (half to
//! even). Intermediate magnitudes are held as `hi * 10^28 + lo`.
use vstd::prelude::*;
use vstd::arithmetic::div_mod::{lemma_fundamental_div_mod, lemma_mod_bound};
use crate::arith::{
    pow10, mantissa_bound, round_half_even, lemma_pow10_pos, lemma_pow10_adds, lemma_pow10_values,
    lemma_pow10_monotone, lemma_div_mod_shift, pow10_u128,
};
use crate::model::{
    DecimalModel, MAX_SCALE, zero_model, fits_after_dropping, fewest_dropped, fit_exact,
    common_scale, difference_numerator, sub_model, add_model, abs_sub_model,
};
use crate::decimal::Decimal;

verus! {

/// `10^28`, the base of the wide representation.
pub open spec fn wide_base() -> nat {
    10_000_000_000_000_000_000_000_000_000nat
}

/// The value of a wide magnitude.
pub open spec fn wide_value(hi: nat, lo: nat) -> nat {
    hi * wide_base() + lo
}

/// The model of an optional decimal.
pub open spec fn opt_model(o: Option<Decimal>) -> Option<DecimalModel> {
    match o {
        Some(d) => Some(d@),
        None => None,
    }
}

pub(crate) const WIDE_BASE: u128 = 10_000_000_000_000_000_000_000_000_000;

pub(crate) const MANTISSA_MAX: u128 = 0xffff_ffff_ffff_ffff_ffff_ffff;

/// `m * 10^k` as a wide magnitude.
fn widen(m: u128, k: u32) -> (r: (u128, u128))
    requires
        m < mantissa_bound(),
        k <= MAX_SCALE,
    ensures
        wide_value(r.0 as nat, r.1 as nat) == m * pow10(k as nat),
        r.1 < wide_base(),
        r.0 < mantissa_bound(),
{
    proof {
        lemma_pow10_values();
        lemma_pow10_adds((28 - k) as nat, k as nat);
        lemma_pow10_pos((28 - k) as nat);
        lemma_pow10_pos(k as nat);
        lemma_pow10_monotone(k as nat, 28);
        lemma_pow10_monotone((28 - k) as nat, 28);
    }
    let p = pow10_u128(28 - k);
    let e = pow10_u128(k);
    let hi = m / p;
    let rem = m % p;
    proof {
        lemma_fundamental_div_mod(m as int, p as int);
        lemma_mod_bound(m as int, p as int);
        let h = hi as int;
        let r = rem as int;
        assert(r * e < p * e) by (nonlinear_arith)
            requires
                r < p,
                e > 0,
        ;
        assert(m * e == h * (p * e) + r * e) by (nonlinear_arith)
            requires
                m == p * h + r,
        ;
        assert(h <= m) by (nonlinear_arith)
            requires
                m == p * h + r,
                p >= 1,
                r >= 0,
                h >= 0,
        ;
    }
    let lo = rem * e;
    (hi, lo)
}

/// The signed sum of two signed wide magnitudes, as a sign and a wide magnitude.
fn signed_wide_sum(
    neg_a: bool,
    hi_a: u128,
    lo_a: u128,
    neg_b: bool,
    hi_b: u128,
    lo_b: u128,
) -> (r: (bool, u128, u128))
    requires
        hi_a < mantissa_bound(),
        hi_b < mantissa_bound(),
        lo_a < wide_base(),
        lo_b < wide_base(),
    ensures
        ({
            let a = wide_value(hi_a as nat, lo_a as nat) as int;
            let b = wide_value(hi_b as nat, lo_b as nat) as int;
            let sum = (if neg_a { -a } else { a }) + (if neg_b { -b } else { b });
            &&& wide_value(r.1 as nat, r.2 as nat) == (if sum < 0 { -sum } else { sum })
            &&& r.0 == (sum < 0)
            &&& r.2 < wide_base()
            &&& r.1 <= 2 * mantissa_bound()
        }),
{
    if neg_a == neg_b {
        let lo = lo_a + lo_b;
        if lo >= WIDE_BASE {
            (neg_a && (hi_a + hi_b + 1 > 0 || lo - WIDE_BASE > 0), hi_a + hi_b + 1, lo - WIDE_BASE)
        } else {
            (neg_a && (hi_a + hi_b > 0 || lo > 0), hi_a + hi_b, lo)
        }
    } else {
        // Subtract the smaller magnitude from the larger; the sign is the larger's.
        let a_ge = hi_a > hi_b || (hi_a == hi_b && lo_a >= lo_b);
        let (h1, l1, h2, l2, neg) = if a_ge {
            (hi_a, lo_a, hi_b, lo_b, neg_a)
        } else {
            (hi_b, lo_b, hi_a, lo_a, neg_b)
        };
        let (hi, lo) = if l1 >= l2 {
            (h1 - h2, l1 - l2)
        } else {
            (h1 - h2 - 1, l1 + WIDE_BASE - l2)
        };
        (neg && (hi > 0 || lo > 0), hi, lo)
    }
}

/// Rounds `hi * 10^28 + lo` with `j` digits dropped, half to even; `None` when the result
/// does not fit in 96 bits.
pub(crate) fn drop_digits(hi: u128, lo: u128, j: u32) -> (r: Option<u128>)
    requires
        lo < wide_base(),
        j <= MAX_SCALE,
    ensures
        r is Some <==> fits_after_dropping(wide_value(hi as nat, lo as nat), j as nat),
        r matches Some(m) ==> m == round_half_even(wide_value(hi as nat, lo as nat), pow10(j as nat)),
{
    proof {
        lemma_pow10_values();
        lemma_pow10_adds((28 - j) as nat, j as nat);
        lemma_pow10_pos((28 - j) as nat);
        lemma_pow10_pos(j as nat);
        lemma_pow10_monotone(j as nat, 28);
        lemma_pow10_monotone((28 - j) as nat, 28);
    }
    let p = pow10_u128(28 - j);
    let d = pow10_u128(j);
    let n: Ghost<nat> = Ghost(wide_value(hi as nat, lo as nat));
    proof {
        assert(n@ == (hi * p) * d + lo) by (nonlinear_arith)
            requires
                n@ == hi * wide_base() + lo,
                wide_base() == p * d,
        ;
        lemma_div_mod_shift((hi * p) as int, d as int, lo as int);
        lemma_fundamental_div_mod(lo as int, d as int);
        lemma_mod_bound(lo as int, d as int);
    }
    if hi > MANTISSA_MAX / p {
        proof {
            lemma_fundamental_div_mod(MANTISSA_MAX as int, p as int);
            assert(hi * p >= mantissa_bound()) by (nonlinear_arith)
                requires
                    hi >= MANTISSA_MAX / p + 1,
                    MANTISSA_MAX == p * (MANTISSA_MAX / p) + MANTISSA_MAX % p,
                    MANTISSA_MAX % p < p,
                    MANTISSA_MAX + 1 == mantissa_bound(),
            ;
            assert(lo / d >= 0);
        }
        None
    } else {
        proof {
            assert(hi * p <= MANTISSA_MAX) by (nonlinear_arith)
                requires
                    hi <= MANTISSA_MAX / p,
                    p > 0,
            {
                lemma_fundamental_div_mod(MANTISSA_MAX as int, p as int);
                lemma_mod_bound(MANTISSA_MAX as int, p as int);
            }
            let qq = lo / d;
            let rr = lo % d;
            assert(qq <= lo) by (nonlinear_arith)
                requires
                    lo == d * qq + rr,
                    d >= 1,
                    rr >= 0,
                    qq >= 0,
            ;
        }
        let q = hi * p + lo / d;
        let rem = lo % d;
        let up = rem > d - rem || (rem == d - rem && q % 2 == 1);
        let rounded = if up {
            q + 1
        } else {
            q
        };
        if rounded <= MANTISSA_MAX {
            Some(rounded)
        } else {
            None
        }
    }
}

/// The decimal `±(hi * 10^28 + lo) / 10^s`, with as few digits dropped as needed to fit.
fn fit_wide(neg: bool, hi: u128, lo: u128, s: u32) -> (r: Option<Decimal>)
    requires
        lo < wide_base(),
        hi <= 2 * mantissa_bound(),
        s <= MAX_SCALE,
    ensures
        opt_model(r) == fit_exact(
            (if neg { -(wide_value(hi as nat, lo as nat) as int) } else { wide_value(hi as nat, lo as nat) as int }),
            s as nat,
        ),
{
    let n: Ghost<nat> = Ghost(wide_value(hi as nat, lo as nat));
    let num: Ghost<int> = Ghost(if neg { -(n@ as int) } else { n@ as int });
    proof {
        assert(((if num@ < 0 { -num@ } else { num@ }) as nat) == n@);
    }
    let mut j: u32 = 0;
    while j <= s
        invariant
            j <= s + 1,
            s <= MAX_SCALE,
            lo < wide_base(),
            hi <= 2 * mantissa_bound(),
            n@ == wide_value(hi as nat, lo as nat),
            fewest_dropped(n@, 0, s as nat) == fewest_dropped(n@, j as nat, s as nat),
        decreases s + 1 - j,
    {
        match drop_digits(hi, lo, j) {
            Some(m) => {
                proof {
                    lemma_pow10_values();
                    assert(fewest_dropped(n@, j as nat, s as nat) == Some(j as nat));
                    if n@ == 0 {
                        assert(m == 0) by {
                            lemma_pow10_pos(j as nat);
                            crate::arith::lemma_round_half_even_bounds(0, pow10(j as nat));
                        }
                    }
                }
                return Some(Decimal::from_parts(neg && num_is_negative(hi, lo), m, s - j));
            },
            None => {
                proof {
                    assert(fewest_dropped(n@, j as nat, s as nat) == fewest_dropped(n@, (j + 1) as nat, s as nat));
                }
                j = j + 1;
            },
        }
    }
    proof {
        assert(fewest_dropped(n@, j as nat, s as nat) is None);
    }
    None
}

/// The wide magnitude is non-zero.
pub(crate) fn num_is_negative(hi: u128, lo: u128) -> (b: bool)
    ensures
        b == (wide_value(hi as nat, lo as nat) > 0),
{
    hi > 0 || lo > 0
}

impl Decimal {
    /// `self + other` (`negate_other == false`) or `self - other` (`negate_other == true`).
    fn add_or_sub(&self, other: &Decimal, negate_other: bool) -> (r: Option<Decimal>)
        ensures
            negate_other ==> opt_model(r) == sub_model(self@, other@),
            !negate_other ==> opt_model(r) == add_model(self@, other@),
    {
        self.ensure_representable();
        other.ensure_representable();
        let sa = self.scale();
        let sb = other.scale();
        let s = if sa >= sb {
            sa
        } else {
            sb
        };
        let (hi_a, lo_a) = widen(self.unsigned_mantissa(), s - sa);
        let (hi_b, lo_b) = widen(other.unsigned_mantissa(), s - sb);
        let neg_b = if negate_other {
            !other.is_sign_negative()
        } else {
            other.is_sign_negative()
        };
        let (neg, hi, lo) = signed_wide_sum(self.is_sign_negative(), hi_a, lo_a, neg_b, hi_b, lo_b);
        proof {
            let a = self@;
            let b = other@;
            assert(s as nat == common_scale(a, b));
            let wa = wide_value(hi_a as nat, lo_a as nat) as int;
            let wb = wide_value(hi_b as nat, lo_b as nat) as int;
            let pa = pow10((s - sa) as nat) as int;
            let pb = pow10((s - sb) as nat) as int;
            assert(a.signed() * pa == (if a.negative { -wa } else { wa })) by (nonlinear_arith)
                requires
                    wa == a.mantissa * pa,
                    a.signed() == (if a.negative { -(a.mantissa as int) } else { a.mantissa as int }),
            ;
            assert(b.signed() * pb == (if b.negative { -wb } else { wb })) by (nonlinear_arith)
                requires
                    wb == b.mantissa * pb,
                    b.signed() == (if b.negative { -(b.mantissa as int) } else { b.mantissa as int }),
            ;
        }
        fit_wide(neg, hi, lo, s)
    }

    /// `self - other`, or `None` when the whole part of the difference needs more than 96 bits.
    pub fn checked_sub(&self, other: &Decimal) -> (r: Option<Decimal>)
        ensures
            opt_model(r) == sub_model(self@, other@),
    {
        self.add_or_sub(other, true)
    }

    /// `self + other`, or `None` when the whole part of the sum needs more than 96 bits.
    pub fn checked_add(&self, other: &Decimal) -> (r: Option<Decimal>)
        ensures
            opt_model(r) == add_model(self@, other@),
    {
        self.add_or_sub(other, false)
    }

    /// `self - other`; the difference must be representable.
    pub fn sub(&self, other: &Decimal) -> (r: Decimal)
        requires
            sub_model(self@, other@) is Some,
        ensures
            Some(r@) == sub_model(self@, other@),
    {
        match self.checked_sub(other) {
            Some(d) => d,
            None => {
                proof {
                    assert(false);
                }
                Decimal::zero()
            },
        }
    }

    /// `max(self - other, 0)`: zero when `self <= other`, the difference otherwise.
    /// The difference must be representable.
    pub fn abs_sub(&self, other: &Decimal) -> (r: Decimal)
        requires
            abs_sub_model(self@, other@) is Some,
        ensures
            Some(r@) == abs_sub_model(self@, other@),
    {
        if self.le(other) {
            Decimal::zero()
        } else {
            self.sub(other)
        }
    }
}

} // verus!

verus! {

/// `abs_sub` is `max(a - b, 0)`: zero when `a <= b`, and otherwise the difference, which
/// is never negative.
pub proof fn lemma_abs_sub_is_positive_part(a: DecimalModel, b: DecimalModel)
    requires
        a.wf(),
        b.wf(),
    ensures
        a.value_le(b) ==> abs_sub_model(a, b) == Some(zero_model()),
        !a.value_le(b) ==> abs_sub_model(a, b) == sub_model(a, b),
        !a.value_le(b) ==> difference_numerator(a, b) > 0,
        abs_sub_model(a, b) matches Some(r) ==> !r.negative,
{
    if !a.value_le(b) {
        let s = common_scale(a, b);
        let pa = pow10((s - a.scale) as nat);
        let pb = pow10((s - b.scale) as nat);
        let qa = pow10(a.scale);
        let qb = pow10(b.scale);
        lemma_pow10_adds((s - a.scale) as nat, a.scale);
        lemma_pow10_adds((s - b.scale) as nat, b.scale);
        lemma_pow10_pos(a.scale);
        lemma_pow10_pos(b.scale);
        let x = a.signed();
        let y = b.signed();
        let n = difference_numerator(a, b);
        let p = pow10(s);
        let k = qa * qb;
        assert((x * pa) * k == x * qb * (pa * qa)) by (nonlinear_arith)
            requires
                k == qa * qb,
        ;
        assert((y * pb) * k == y * qa * (pb * qb)) by (nonlinear_arith)
            requires
                k == qa * qb,
        ;
        assert(n * k == (x * pa) * k - (y * pb) * k) by (nonlinear_arith)
            requires
                n == x * pa - y * pb,
        ;
        assert(n * k == p * (x * qb - y * qa)) by (nonlinear_arith)
            requires
                n * k == x * qb * p - y * qa * p,
        ;
        assert(p * (x * qb - y * qa) > 0) by (nonlinear_arith)
            requires
                x * qb > y * qa,
                p >= 1,
        ;
        assert(k >= 1) by (nonlinear_arith)
            requires
                k == qa * qb,
                qa >= 1,
                qb >= 1,
        ;
        assert(n > 0) by (nonlinear_arith)
            requires
                n * k > 0,
                k >= 1,
        ;
    }
}

} // verus!
