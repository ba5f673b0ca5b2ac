//! The mathematical model of a decimal: a sign, a natural mantissa and a scale,
//! standing for the rational number `±mantissa / 10^scale`.
use vstd::prelude::*;
use crate::arith::{pow10, mantissa_bound, round_half_even};

verus! {

/// Largest scale a decimal may carry.
pub const MAX_SCALE: u32 = 28;

/// The value a `Decimal` stands for.
pub struct DecimalModel {
    pub negative: bool,
    pub mantissa: nat,
    pub scale: nat,
}

impl DecimalModel {
    /// A representable decimal: the mantissa fits in 96 bits, the scale is at most 28,
    /// and zero carries no sign.
    pub open spec fn wf(self) -> bool {
        &&& self.mantissa < mantissa_bound()
        &&& self.scale <= MAX_SCALE
        &&& (self.mantissa == 0 ==> !self.negative)
    }

    /// The signed mantissa.
    pub open spec fn signed(self) -> int {
        if self.negative {
            -(self.mantissa as int)
        } else {
            self.mantissa as int
        }
    }

    /// `self` and `other` stand for the same rational number.
    pub open spec fn same_value(self, other: DecimalModel) -> bool {
        self.signed() * pow10(other.scale) == other.signed() * pow10(self.scale)
    }

    /// The rational number of `self` is at most that of `other`.
    pub open spec fn value_le(self, other: DecimalModel) -> bool {
        self.signed() * pow10(other.scale) <= other.signed() * pow10(self.scale)
    }

    /// The value is a whole number.
    pub open spec fn is_integer(self) -> bool {
        self.mantissa % pow10(self.scale) == 0
    }
}

/// The decimal with the given sign, magnitude and scale; zero is never negative.
pub open spec fn signed_model(negative: bool, mantissa: nat, scale: nat) -> DecimalModel {
    DecimalModel { negative: negative && mantissa != 0, mantissa, scale }
}

/// The decimal holding the integer `n` at scale 0.
pub open spec fn model_of_int(n: int) -> DecimalModel {
    signed_model(n < 0, (if n < 0 { -n } else { n }) as nat, 0)
}

/// Zero.
pub open spec fn zero_model() -> DecimalModel {
    DecimalModel { negative: false, mantissa: 0, scale: 0 }
}

/// Rounding `dp`: a scale at or above the current one leaves the decimal as it is;
/// a smaller one rounds half to even at scale `dp`.
pub open spec fn round_dp_model(d: DecimalModel, dp: nat) -> DecimalModel {
    if dp >= d.scale {
        d
    } else {
        signed_model(d.negative, round_half_even(d.mantissa, pow10((d.scale - dp) as nat)), dp)
    }
}

/// `n` at scale `s`, with `j` digits dropped by rounding half to even, fits in 96 bits.
pub open spec fn fits_after_dropping(n: nat, j: nat) -> bool {
    round_half_even(n, pow10(j)) < mantissa_bound()
}

/// The fewest digits in `j..=s` that must be dropped from `n` for it to fit.
pub open spec fn fewest_dropped(n: nat, j: nat, s: nat) -> Option<nat>
    decreases s + 1 - j,
{
    if j > s {
        None
    } else if fits_after_dropping(n, j) {
        Some(j)
    } else {
        fewest_dropped(n, j + 1, s)
    }
}

/// The exact number `num / 10^s` made representable: as few digits as possible are
/// rounded off (half to even), and `None` when even scale 0 does not fit.
pub open spec fn fit_exact(num: int, s: nat) -> Option<DecimalModel> {
    let n = (if num < 0 { -num } else { num }) as nat;
    match fewest_dropped(n, 0, s) {
        Some(j) => Some(signed_model(num < 0, round_half_even(n, pow10(j)), (s - j) as nat)),
        None => None,
    }
}

/// The larger of two scales.
pub open spec fn common_scale(a: DecimalModel, b: DecimalModel) -> nat {
    if a.scale >= b.scale {
        a.scale
    } else {
        b.scale
    }
}

/// `a - b` written over `10^common_scale(a, b)`.
pub open spec fn difference_numerator(a: DecimalModel, b: DecimalModel) -> int {
    let s = common_scale(a, b);
    a.signed() * pow10((s - a.scale) as nat) - b.signed() * pow10((s - b.scale) as nat)
}

/// `a + b` written over `10^common_scale(a, b)`.
pub open spec fn sum_numerator(a: DecimalModel, b: DecimalModel) -> int {
    let s = common_scale(a, b);
    a.signed() * pow10((s - a.scale) as nat) + b.signed() * pow10((s - b.scale) as nat)
}

/// `a - b`, or `None` when its whole part does not fit.
pub open spec fn sub_model(a: DecimalModel, b: DecimalModel) -> Option<DecimalModel> {
    fit_exact(difference_numerator(a, b), common_scale(a, b))
}

/// `a + b`, or `None` when its whole part does not fit.
pub open spec fn add_model(a: DecimalModel, b: DecimalModel) -> Option<DecimalModel> {
    fit_exact(sum_numerator(a, b), common_scale(a, b))
}

/// `max(a - b, 0)`.
pub open spec fn abs_sub_model(a: DecimalModel, b: DecimalModel) -> Option<DecimalModel> {
    if a.value_le(b) {
        Some(zero_model())
    } else {
        sub_model(a, b)
    }
}

} // verus!
