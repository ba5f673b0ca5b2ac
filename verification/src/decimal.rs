//! The `Decimal` type: construction, inspection, comparison and rounding.
use vstd::prelude::*;
use vstd::arithmetic::div_mod::{lemma_fundamental_div_mod, lemma_mod_bound};
use crate::arith::{
    pow10, mantissa_bound, lemma_pow10_pos, lemma_pow10_adds, lemma_pow10_values,
    lemma_round_half_even_bounds, lemma_pow10_monotone, pow10_u128, div_round_half_even,
};
use crate::model::{
    DecimalModel, MAX_SCALE, signed_model, model_of_int, zero_model, round_dp_model,
};

verus! {

/// A decimal number `±mantissa / 10^scale` with a 96-bit mantissa and a scale of at most 28.
#[derive(Clone, Copy, Debug)]
pub struct Decimal {
    negative: bool,
    scale: u32,
    mantissa: u128,
}

impl View for Decimal {
    type V = DecimalModel;

    closed spec fn view(&self) -> DecimalModel {
        DecimalModel {
            negative: self.negative,
            mantissa: self.mantissa as nat,
            scale: self.scale as nat,
        }
    }
}

// ---------------------------------------------------------------------------
// Facts about scaled comparisons.

/// Cancelling a positive factor on both sides.
pub proof fn lemma_cancel_factor(x: int, y: int, c: int)
    requires
        c > 0,
    ensures
        (x * c == y * c) <==> (x == y),
        (x * c <= y * c) <==> (x <= y),
{
    if x * c <= y * c {
        assert(x <= y) by (nonlinear_arith)
            requires
                c > 0,
                x * c <= y * c,
        ;
    }
    if x <= y {
        assert(x * c <= y * c) by (nonlinear_arith)
            requires
                c > 0,
                x <= y,
        ;
    }
    if x * c == y * c {
        assert(x == y) by (nonlinear_arith)
            requires
                c > 0,
                x * c == y * c,
        ;
    }
}

/// Comparing `x / 10^sx` with `y / 10^sy` when `sx <= sy` reduces to comparing
/// `x * 10^(sy - sx)` with `y`.
pub proof fn lemma_align_left(x: int, sx: nat, y: int, sy: nat)
    requires
        sx <= sy,
    ensures
        (x * pow10(sy) == y * pow10(sx)) <==> (x * pow10((sy - sx) as nat) == y),
        (x * pow10(sy) <= y * pow10(sx)) <==> (x * pow10((sy - sx) as nat) <= y),
        (y * pow10(sx) <= x * pow10(sy)) <==> (y <= x * pow10((sy - sx) as nat)),
{
    let k = (sy - sx) as nat;
    let p = pow10(sx) as int;
    let q = pow10(k) as int;
    lemma_pow10_adds(sx, k);
    lemma_pow10_pos(sx);
    assert(x * pow10(sy) == (x * q) * p) by (nonlinear_arith)
        requires
            pow10(sy) == p * q,
    ;
    lemma_cancel_factor(x * q, y, p);
    lemma_cancel_factor(y, x * q, p);
}

/// `x * p <= y` exactly when `x <= y / p`.
pub proof fn lemma_mul_le_iff_div(x: nat, p: nat, y: nat)
    requires
        p > 0,
    ensures
        (x * p <= y) <==> (x <= y / p),
{
    lemma_fundamental_div_mod(y as int, p as int);
    lemma_mod_bound(y as int, p as int);
    let q = y / p;
    let r = y % p;
    assert(y == p * q + r);
    if x <= q {
        assert(x * p <= y) by (nonlinear_arith)
            requires
                x <= q,
                p > 0,
                y == p * q + r,
                r >= 0,
        ;
    } else {
        assert(x * p > y) by (nonlinear_arith)
            requires
                x >= q + 1,
                p > 0,
                y == p * q + r,
                r < p,
        ;
    }
}

/// `y <= x * p` exactly when `(y + p - 1) / p <= x`.
pub proof fn lemma_le_mul_iff_ceil(y: nat, p: nat, x: nat)
    requires
        p > 0,
    ensures
        (y <= x * p) <==> ((y + p - 1) as nat / p <= x),
{
    let t = (y + p - 1) as nat;
    lemma_fundamental_div_mod(t as int, p as int);
    lemma_mod_bound(t as int, p as int);
    let q = t / p;
    let r = t % p;
    assert(t == p * q + r);
    if q <= x {
        assert(y <= x * p) by (nonlinear_arith)
            requires
                q <= x,
                p > 0,
                t == p * q + r,
                t == y + p - 1,
                r < p,
        ;
    } else {
        assert(y > x * p) by (nonlinear_arith)
            requires
                x <= q - 1,
                p > 0,
                t == p * q + r,
                t == y + p - 1,
                r >= 0,
        ;
    }
}

/// `x * p == y` exactly when `p` divides `y` with quotient `x`.
pub proof fn lemma_mul_eq_iff_div(x: nat, p: nat, y: nat)
    requires
        p > 0,
    ensures
        (x * p == y) <==> (y % p == 0 && y / p == x),
{
    lemma_fundamental_div_mod(y as int, p as int);
    if x * p == y {
        vstd::arithmetic::div_mod::lemma_fundamental_div_mod_converse(y as int, p as int, x as int, 0);
    }
    if y % p == 0 && y / p == x {
        assert(y == p * x);
        assert(p * x == x * p) by (nonlinear_arith);
    }
}

// ---------------------------------------------------------------------------
// Magnitude comparisons.

/// `x / 10^sx` is at most `y / 10^sy`, for magnitudes.
fn magnitude_le(x: u128, sx: u32, y: u128, sy: u32) -> (r: bool)
    requires
        x < mantissa_bound(),
        y < mantissa_bound(),
        sx <= MAX_SCALE,
        sy <= MAX_SCALE,
    ensures
        r == (x * pow10(sy as nat) <= y * pow10(sx as nat)),
{
    proof {
        lemma_pow10_values();
    }
    if sx <= sy {
        let k = sy - sx;
        let p = pow10_u128(k);
        proof {
            lemma_align_left(x as int, sx as nat, y as int, sy as nat);
            lemma_pow10_pos(k as nat);
            lemma_mul_le_iff_div(x as nat, p as nat, y as nat);
        }
        x <= y / p
    } else {
        let k = sx - sy;
        let p = pow10_u128(k);
        proof {
            lemma_align_left(y as int, sy as nat, x as int, sx as nat);
            lemma_pow10_pos(k as nat);
            lemma_pow10_monotone(k as nat, 28);
            lemma_le_mul_iff_ceil(x as nat, p as nat, y as nat);
        }
        (x + p - 1) / p <= y
    }
}

/// `x / 10^sx` equals `y / 10^sy`, for magnitudes.
fn magnitude_eq(x: u128, sx: u32, y: u128, sy: u32) -> (r: bool)
    requires
        x < mantissa_bound(),
        y < mantissa_bound(),
        sx <= MAX_SCALE,
        sy <= MAX_SCALE,
    ensures
        r == (x * pow10(sy as nat) == y * pow10(sx as nat)),
{
    proof {
        lemma_pow10_values();
    }
    if sx <= sy {
        let k = sy - sx;
        let p = pow10_u128(k);
        proof {
            lemma_align_left(x as int, sx as nat, y as int, sy as nat);
            lemma_pow10_pos(k as nat);
            lemma_mul_eq_iff_div(x as nat, p as nat, y as nat);
        }
        y % p == 0 && y / p == x
    } else {
        let k = sx - sy;
        let p = pow10_u128(k);
        proof {
            lemma_align_left(y as int, sy as nat, x as int, sx as nat);
            lemma_pow10_pos(k as nat);
            lemma_mul_eq_iff_div(y as nat, p as nat, x as nat);
        }
        x % p == 0 && x / p == y
    }
}

impl Decimal {
    #[verifier::type_invariant]
    spec fn representable(self) -> bool {
        self@.wf()
    }

    /// Brings the type invariant into the caller's proof context.
    pub(crate) fn ensure_representable(&self)
        ensures
            self@.wf(),
    {
        proof {
            use_type_invariant(self);
        }
    }

    /// Builds a decimal from the exact model; the model must be representable.
    pub(crate) fn from_parts(negative: bool, mantissa: u128, scale: u32) -> (d: Decimal)
        requires
            mantissa < mantissa_bound(),
            scale <= MAX_SCALE,
        ensures
            d@ == signed_model(negative, mantissa as nat, scale as nat),
    {
        Decimal { negative: negative && mantissa != 0, scale, mantissa }
    }

    /// `num / 10^scale`. The scale may not exceed 28.
    pub fn new(num: i64, scale: u32) -> (d: Decimal)
        requires
            scale <= MAX_SCALE,
        ensures
            d@ == signed_model(num < 0, (if num < 0 { -num } else { num as int }) as nat, scale as nat),
    {
        let magnitude: u128 = if num < 0 {
            (-(num as i128)) as u128
        } else {
            num as u128
        };
        proof {
            lemma_pow10_values();
        }
        Decimal::from_parts(num < 0, magnitude, scale)
    }

    /// Zero at scale 0.
    pub fn zero() -> (d: Decimal)
        ensures
            d@ == zero_model(),
    {
        Decimal { negative: false, scale: 0, mantissa: 0 }
    }

    /// The number of digits after the decimal point.
    pub fn scale(&self) -> (s: u32)
        ensures
            s == self@.scale,
    {
        self.scale
    }

    /// The signed mantissa.
    pub fn mantissa(&self) -> (m: i128)
        ensures
            m == self@.signed(),
    {
        proof {
            use_type_invariant(self);
            lemma_pow10_values();
        }
        if self.negative {
            -(self.mantissa as i128)
        } else {
            self.mantissa as i128
        }
    }

    /// The mantissa without its sign.
    pub fn unsigned_mantissa(&self) -> (m: u128)
        ensures
            m == self@.mantissa,
    {
        self.mantissa
    }

    /// The sign bit.
    pub fn is_sign_negative(&self) -> (b: bool)
        ensures
            b == self@.negative,
    {
        self.negative
    }

    /// The value is zero.
    pub fn is_zero(&self) -> (b: bool)
        ensures
            b == (self@.mantissa == 0),
    {
        self.mantissa == 0
    }

    /// `n` as a decimal at scale 0, or `None` when `|n|` needs more than 96 bits.
    pub fn from_i128(n: i128) -> (d: Option<Decimal>)
        ensures
            d is Some <==> (if n < 0 { -n } else { n as int }) < mantissa_bound(),
            d matches Some(x) ==> x@ == model_of_int(n as int),
    {
        let magnitude: u128 = if n < 0 {
            if n == i128::MIN {
                0x8000_0000_0000_0000_0000_0000_0000_0000u128
            } else {
                (-n) as u128
            }
        } else {
            n as u128
        };
        if magnitude < 0x1_0000_0000_0000_0000_0000_0000u128 {
            proof {
                lemma_pow10_values();
            }
            Some(Decimal::from_parts(n < 0, magnitude, 0))
        } else {
            None
        }
    }

    /// The value is a whole number.
    pub fn is_integer(&self) -> (b: bool)
        ensures
            b == self@.is_integer(),
    {
        proof {
            use_type_invariant(self);
        }
        let p = pow10_u128(self.scale);
        proof {
            lemma_pow10_pos(self.scale as nat);
        }
        self.mantissa % p == 0
    }

    /// Rounds to `dp` digits after the point, half to even; a `dp` at or above the scale
    /// leaves the decimal unchanged.
    pub fn round_dp(&self, dp: u32) -> (d: Decimal)
        ensures
            d@ == round_dp_model(self@, dp as nat),
    {
        proof {
            use_type_invariant(self);
        }
        if dp >= self.scale {
            *self
        } else {
            let p = pow10_u128(self.scale - dp);
            proof {
                lemma_pow10_pos((self.scale - dp) as nat);
            }
            let m = div_round_half_even(self.mantissa, p);
            proof {
                lemma_round_half_even_bounds(self.mantissa as nat, p as nat);
            }
            Decimal::from_parts(self.negative, m, dp)
        }
    }

    /// `self` and `other` stand for the same number (whatever their scales).
    pub fn value_eq(&self, other: &Decimal) -> (b: bool)
        ensures
            b == self@.same_value(other@),
    {
        proof {
            use_type_invariant(self);
            use_type_invariant(other);
            lemma_pow10_pos(self.scale as nat);
            lemma_pow10_pos(other.scale as nat);
        }
        let mag = magnitude_eq(self.mantissa, self.scale, other.mantissa, other.scale);
        proof {
            let x = self.mantissa as int;
            let y = other.mantissa as int;
            let px = pow10(self.scale as nat) as int;
            let py = pow10(other.scale as nat) as int;
            assert((-x) * py == -(x * py)) by (nonlinear_arith);
            assert((-y) * px == -(y * px)) by (nonlinear_arith);
            assert(x * py >= 0 && y * px >= 0) by (nonlinear_arith)
                requires
                    x >= 0,
                    y >= 0,
                    px > 0,
                    py > 0,
            ;
            assert(x > 0 ==> x * py > 0) by (nonlinear_arith)
                requires
                    py > 0,
            ;
            assert(y > 0 ==> y * px > 0) by (nonlinear_arith)
                requires
                    px > 0,
            ;
        }
        if self.negative != other.negative {
            false
        } else {
            mag
        }
    }

    /// `self <= other` as numbers.
    pub fn le(&self, other: &Decimal) -> (b: bool)
        ensures
            b == self@.value_le(other@),
    {
        proof {
            use_type_invariant(self);
            use_type_invariant(other);
            lemma_pow10_pos(self.scale as nat);
            lemma_pow10_pos(other.scale as nat);
        }
        let ab = magnitude_le(self.mantissa, self.scale, other.mantissa, other.scale);
        let ba = magnitude_le(other.mantissa, other.scale, self.mantissa, self.scale);
        proof {
            let x = self.mantissa as int;
            let y = other.mantissa as int;
            let px = pow10(self.scale as nat) as int;
            let py = pow10(other.scale as nat) as int;
            assert((-x) * py == -(x * py)) by (nonlinear_arith);
            assert((-y) * px == -(y * px)) by (nonlinear_arith);
            assert(x * py >= 0 && y * px >= 0) by (nonlinear_arith)
                requires
                    x >= 0,
                    y >= 0,
                    px > 0,
                    py > 0,
            ;
            assert(x > 0 ==> x * py > 0) by (nonlinear_arith)
                requires
                    py > 0,
            ;
            assert(y > 0 ==> y * px > 0) by (nonlinear_arith)
                requires
                    px > 0,
            ;
        }
        if self.negative != other.negative {
            self.negative
        } else if self.negative {
            ba
        } else {
            ab
        }
    }
}

impl PartialEq for Decimal {
    fn eq(&self, other: &Decimal) -> (b: bool) {
        self.value_eq(other)
    }
}

impl vstd::std_specs::cmp::PartialEqSpecImpl for Decimal {
    open spec fn obeys_eq_spec() -> bool {
        true
    }

    open spec fn eq_spec(&self, other: &Decimal) -> bool {
        self@.same_value(other@)
    }
}

} // verus!

verus! {

/// Rounding to at least as many places as a decimal has returns it unchanged, scale
/// included.
pub proof fn lemma_round_dp_preserves(d: DecimalModel, dp: nat)
    requires
        dp >= d.scale,
    ensures
        round_dp_model(d, dp) == d,
{
}

} // verus!
