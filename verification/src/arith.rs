//! Powers of ten, integer division facts and round-half-to-even, in spec and in exec form.
use vstd::prelude::*;
use vstd::arithmetic::div_mod::{
    lemma_fundamental_div_mod, lemma_fundamental_div_mod_converse, lemma_mod_bound, lemma_small_mod,
};

verus! {

/// `10^n` as a natural number.
pub open spec fn pow10(n: nat) -> nat
    decreases n,
{
    if n == 0 {
        1
    } else {
        10 * pow10((n - 1) as nat)
    }
}

/// One more than the largest mantissa: `2^96`.
pub open spec fn mantissa_bound() -> nat {
    0x1_0000_0000_0000_0000_0000_0000nat
}

/// `n / d` rounded to the nearest integer, ties going to the even neighbour.
pub open spec fn round_half_even(n: nat, d: nat) -> nat
    recommends
        d > 0,
{
    let q = n / d;
    let r = n % d;
    if 2 * r > d || (2 * r == d && q % 2 == 1) {
        q + 1
    } else {
        q
    }
}

pub proof fn lemma_pow10_pos(n: nat)
    ensures
        pow10(n) >= 1,
    decreases n,
{
    if n > 0 {
        lemma_pow10_pos((n - 1) as nat);
    }
}

pub proof fn lemma_pow10_adds(a: nat, b: nat)
    ensures
        pow10(a + b) == pow10(a) * pow10(b),
    decreases a,
{
    if a > 0 {
        lemma_pow10_adds((a - 1) as nat, b);
        let x = pow10((a - 1) as nat);
        let y = pow10(b);
        assert(((a - 1) as nat + b) as nat == (a + b - 1) as nat);
        assert(pow10(a + b) == 10 * pow10((a + b - 1) as nat));
        assert(pow10((a - 1) as nat + b) == x * y);
        assert(10 * (x * y) == (10 * x) * y) by (nonlinear_arith);
        assert(pow10(a) == 10 * x);
    } else {
        assert(pow10(a) == 1);
        assert(a + b == b);
    }
}

pub proof fn lemma_pow10_monotone(a: nat, b: nat)
    requires
        a <= b,
    ensures
        pow10(a) <= pow10(b),
    decreases b,
{
    if a < b {
        lemma_pow10_monotone(a, (b - 1) as nat);
        lemma_pow10_pos((b - 1) as nat);
    }
}

/// The concrete values used by the exec code.
pub proof fn lemma_pow10_values()
    ensures
        pow10(1) == 10,
        pow10(9) == 1_000_000_000,
        pow10(19) == 10_000_000_000_000_000_000,
        pow10(28) == 10_000_000_000_000_000_000_000_000_000,
        pow10(29) == 100_000_000_000_000_000_000_000_000_000,
        pow10(28) < mantissa_bound(),
        mantissa_bound() < pow10(29),
{
    reveal_with_fuel(pow10, 30);
}

/// `(x * d + y) / d == x + y / d` and `(x * d + y) % d == y % d`.
pub proof fn lemma_div_mod_shift(x: int, d: int, y: int)
    requires
        d > 0,
        x >= 0,
        y >= 0,
    ensures
        (x * d + y) / d == x + y / d,
        (x * d + y) % d == y % d,
{
    lemma_fundamental_div_mod(y, d);
    lemma_mod_bound(y, d);
    let q = y / d;
    let r = y % d;
    assert(y == d * q + r);
    assert(x * d + y == (x + q) * d + r) by (nonlinear_arith)
        requires
            y == d * q + r,
    ;
    lemma_fundamental_div_mod_converse(x * d + y, d, x + y / d, y % d);
}

/// `x * 10^k` is divisible by `10^k`, with quotient `x`.
pub proof fn lemma_mul_pow10_div(x: nat, k: nat)
    ensures
        (x * pow10(k)) / pow10(k) == x,
        (x * pow10(k)) % pow10(k) == 0,
{
    lemma_pow10_pos(k);
    lemma_div_mod_shift(x as int, pow10(k) as int, 0);
}

/// The rounded quotient never exceeds the floor quotient by more than one,
/// and it is zero only if the dividend is less than half the divisor.
pub proof fn lemma_round_half_even_bounds(n: nat, d: nat)
    requires
        d > 0,
    ensures
        n / d <= round_half_even(n, d) <= n / d + 1,
        round_half_even(n, d) <= n,
        d == 1 ==> round_half_even(n, d) == n,
{
    lemma_fundamental_div_mod(n as int, d as int);
    lemma_mod_bound(n as int, d as int);
    if d == 1 {
        lemma_small_mod(0, 1);
        assert(n % 1 == 0) by {
            lemma_mod_bound(n as int, 1);
        }
        assert(n / 1 == n) by {
            lemma_fundamental_div_mod(n as int, 1);
        }
    } else {
        let q = n / d;
        let r = n % d;
        assert(d * q >= q) by (nonlinear_arith)
            requires
                d >= 1,
                q >= 0,
        ;
        if round_half_even(n, d) == q + 1 {
            assert(r > 0);
        }
    }
}

/// Executable `10^n` for the exponents that fit in a `u128`.
pub fn pow10_u128(n: u32) -> (r: u128)
    requires
        n <= 38,
    ensures
        r == pow10(n as nat),
{
    let mut r: u128 = 1;
    let mut i: u32 = 0;
    while i < n
        invariant
            i <= n <= 38,
            r == pow10(i as nat),
        decreases n - i,
    {
        proof {
            lemma_pow10_monotone(i as nat, 37);
            reveal_with_fuel(pow10, 39);
            assert(pow10(37) == 10_000_000_000_000_000_000_000_000_000_000_000_000);
        }
        r = r * 10;
        i = i + 1;
    }
    r
}

/// Executable round-half-to-even division.
pub fn div_round_half_even(n: u128, d: u128) -> (r: u128)
    requires
        d > 0,
    ensures
        r == round_half_even(n as nat, d as nat),
{
    let q = n / d;
    let rem = n % d;
    proof {
        lemma_round_half_even_bounds(n as nat, d as nat);
        lemma_mod_bound(n as int, d as int);
    }
    let twice_above = rem > d - rem;
    let twice_equal = rem == d - rem;
    if twice_above || (twice_equal && q % 2 == 1) {
        q + 1
    } else {
        q
    }
}

} // verus!
