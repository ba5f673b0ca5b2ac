//! Decimal digit strings: their values, and the digit string of a natural number.
use vstd::prelude::*;
use crate::arith::{pow10, lemma_pow10_pos};

verus! {

/// `c` is one of `'0'..='9'`.
pub open spec fn is_digit(c: char) -> bool {
    '0' <= c && c <= '9'
}

/// The value of a digit character.
pub open spec fn digit_value(c: char) -> nat {
    (c as int - '0' as int) as nat
}

/// The character of a digit `d < 10`.
pub open spec fn digit_char(d: nat) -> char {
    (d + '0' as int) as char
}

/// Every character of `s` is a digit.
pub open spec fn all_digits(s: Seq<char>) -> bool {
    forall|i: int| 0 <= i < s.len() ==> #[trigger] is_digit(s[i])
}

/// Every character of `s` is `'0'`.
pub open spec fn all_zeros(s: Seq<char>) -> bool {
    forall|i: int| 0 <= i < s.len() ==> #[trigger] s[i] == '0'
}

/// The number a string of digits spells, most significant digit first.
pub open spec fn digits_value(s: Seq<char>) -> nat
    decreases s.len(),
{
    if s.len() == 0 {
        0
    } else {
        digits_value(s.drop_last()) * 10 + digit_value(s.last())
    }
}

/// The shortest digit string of `n` (`"0"` for zero).
pub open spec fn nat_digits(n: nat) -> Seq<char>
    decreases n,
{
    if n < 10 {
        seq![digit_char(n)]
    } else {
        nat_digits(n / 10).push(digit_char(n % 10))
    }
}

/// `k` zeros.
pub open spec fn zeros(k: nat) -> Seq<char> {
    Seq::new(k, |i: int| '0')
}

/// The digit string of `n`, left-padded with zeros to at least `width` characters.
pub open spec fn padded_digits(n: nat, width: nat) -> Seq<char> {
    let d = nat_digits(n);
    if d.len() >= width {
        d
    } else {
        zeros((width - d.len()) as nat) + d
    }
}

pub proof fn lemma_digit_char(d: nat)
    requires
        d < 10,
    ensures
        is_digit(digit_char(d)),
        digit_value(digit_char(d)) == d,
        digit_char(d) == '0' <==> d == 0,
{
}

/// The digit string of `n` spells `n`, starts with a non-zero digit unless `n == 0`,
/// and has as many digits as `n` needs.
pub proof fn lemma_nat_digits(n: nat)
    ensures
        all_digits(nat_digits(n)),
        nat_digits(n).len() >= 1,
        digits_value(nat_digits(n)) == n,
        n > 0 ==> nat_digits(n)[0] != '0',
        n == 0 ==> nat_digits(n) == seq!['0'],
        n < pow10(nat_digits(n).len()),
        nat_digits(n).len() > 1 ==> pow10((nat_digits(n).len() - 1) as nat) <= n,
    decreases n,
{
    if n < 10 {
        lemma_digit_char(n);
        let s = nat_digits(n);
        assert(s.drop_last() =~= Seq::<char>::empty());
        assert(digits_value(s) == digits_value(s.drop_last()) * 10 + digit_value(s.last()));
        assert(digits_value(Seq::<char>::empty()) == 0);
        assert(pow10(1) == 10) by {
            reveal_with_fuel(pow10, 2);
        }
    } else {
        lemma_nat_digits(n / 10);
        lemma_digit_char(n % 10);
        let t = nat_digits(n / 10);
        let s = nat_digits(n);
        assert(s.drop_last() == t);
        assert(s.last() == digit_char(n % 10));
        assert(n == (n / 10) * 10 + n % 10);
        assert(digits_value(s) == digits_value(s.drop_last()) * 10 + digit_value(s.last()));
        assert(s[0] == t[0]);
        assert(forall|i: int| 0 <= i < t.len() ==> s[i] == t[i]);
        assert(pow10(s.len()) == 10 * pow10(t.len()));
        assert(pow10((s.len() - 1) as nat) == pow10(t.len()));
        if t.len() > 1 {
            assert(pow10((t.len() - 1) as nat) * 10 == pow10(t.len()));
        } else {
            assert(t.len() == 1);
            assert(pow10(1) == 10) by {
                reveal_with_fuel(pow10, 2);
            }
        }
    }
}

/// The value of a concatenation.
pub proof fn lemma_digits_value_append(a: Seq<char>, b: Seq<char>)
    ensures
        digits_value(a + b) == digits_value(a) * pow10(b.len()) + digits_value(b),
    decreases b.len(),
{
    if b.len() == 0 {
        assert(a + b =~= a);
    } else {
        let b1 = b.drop_last();
        lemma_digits_value_append(a, b1);
        assert((a + b).drop_last() =~= a + b1);
        assert((a + b).last() == b.last());
        let x = digits_value(a);
        let p = pow10(b1.len());
        assert(pow10(b.len()) == 10 * p);
        assert((x * p + digits_value(b1)) * 10 == x * (10 * p) + digits_value(b1) * 10)
            by (nonlinear_arith);
    }
}

/// A digit string spells a number below `10^len`.
pub proof fn lemma_digits_value_bound(s: Seq<char>)
    requires
        all_digits(s),
    ensures
        digits_value(s) < pow10(s.len()),
    decreases s.len(),
{
    if s.len() > 0 {
        let t = s.drop_last();
        assert(all_digits(t)) by {
            assert forall|i: int| 0 <= i < t.len() implies is_digit(t[i]) by {
                assert(t[i] == s[i]);
            }
        }
        lemma_digits_value_bound(t);
        assert(is_digit(s[s.len() - 1]));
        assert(digits_value(s) < (digits_value(t) + 1) * 10);
        assert((digits_value(t) + 1) * 10 <= pow10(t.len()) * 10) by (nonlinear_arith)
            requires
                digits_value(t) + 1 <= pow10(t.len()),
        ;
    }
}

/// A digit string spells zero exactly when all its digits are `'0'`.
pub proof fn lemma_digits_value_zero(s: Seq<char>)
    requires
        all_digits(s),
    ensures
        (digits_value(s) == 0) <==> all_zeros(s),
    decreases s.len(),
{
    if s.len() > 0 {
        let t = s.drop_last();
        assert(all_digits(t)) by {
            assert forall|i: int| 0 <= i < t.len() implies is_digit(t[i]) by {
                assert(t[i] == s[i]);
            }
        }
        lemma_digits_value_zero(t);
        assert(is_digit(s[s.len() - 1]));
        if all_zeros(s) {
            assert(all_zeros(t)) by {
                assert forall|i: int| 0 <= i < t.len() implies t[i] == '0' by {
                    assert(t[i] == s[i]);
                }
            }
            assert(s[s.len() - 1] == '0');
        }
        if digits_value(s) == 0 {
            assert(digits_value(t) == 0);
            assert(digit_value(s.last()) == 0);
            assert forall|i: int| 0 <= i < s.len() implies s[i] == '0' by {
                if i < s.len() - 1 {
                    assert(t[i] == s[i]);
                }
            }
        }
    }
}

/// Zeros spell zero.
pub proof fn lemma_zeros(k: nat)
    ensures
        all_digits(zeros(k)),
        all_zeros(zeros(k)),
        digits_value(zeros(k)) == 0,
        zeros(k).len() == k,
{
    lemma_digits_value_zero(zeros(k));
}

/// Left-padding keeps the value.
pub proof fn lemma_padded_digits(n: nat, width: nat)
    ensures
        all_digits(padded_digits(n, width)),
        digits_value(padded_digits(n, width)) == n,
        padded_digits(n, width).len() >= width,
        padded_digits(n, width).len() >= nat_digits(n).len(),
        padded_digits(n, width).len() > width ==> padded_digits(n, width) == nat_digits(n),
{
    lemma_nat_digits(n);
    let d = nat_digits(n);
    if d.len() < width {
        let z = zeros((width - d.len()) as nat);
        lemma_zeros((width - d.len()) as nat);
        lemma_digits_value_append(z, d);
        assert(all_digits(z + d)) by {
            assert forall|i: int| 0 <= i < (z + d).len() implies is_digit((z + d)[i]) by {
                if i < z.len() {
                    assert((z + d)[i] == z[i]);
                } else {
                    assert((z + d)[i] == d[i - z.len()]);
                }
            }
        }
    }
}

/// The last `k` digits of a digit string spell its value modulo `10^k`, and the rest
/// spells the quotient.
pub proof fn lemma_digits_split(s: Seq<char>, k: nat)
    requires
        all_digits(s),
        k <= s.len(),
    ensures
        digits_value(s.skip(s.len() - k)) == digits_value(s) % pow10(k),
        digits_value(s.take(s.len() - k)) == digits_value(s) / pow10(k),
{
    let cut = s.len() - k;
    let a = s.take(cut);
    let b = s.skip(cut);
    assert(a + b =~= s);
    lemma_digits_value_append(a, b);
    assert(all_digits(b)) by {
        assert forall|i: int| 0 <= i < b.len() implies is_digit(b[i]) by {
            assert(b[i] == s[i + cut]);
        }
    }
    lemma_digits_value_bound(b);
    lemma_pow10_pos(k);
    assert(b.len() == k);
    vstd::arithmetic::div_mod::lemma_fundamental_div_mod_converse(
        digits_value(s) as int,
        pow10(k) as int,
        digits_value(a) as int,
        digits_value(b) as int,
    );
}

// ---------------------------------------------------------------------------
// Executable digit helpers.

/// The character of a digit.
pub fn digit_to_char(d: u128) -> (c: char)
    requires
        d < 10,
    ensures
        c == digit_char(d as nat),
{
    let b: u8 = d as u8;
    (b + 48) as char
}

/// The value of a digit character.
pub fn char_to_digit(c: char) -> (d: u128)
    requires
        is_digit(c),
    ensures
        d == digit_value(c),
        d < 10,
{
    ((c as u32) - 48) as u128
}

/// The shortest digit string of `n`.
pub fn u128_digits(n: u128) -> (v: Vec<char>)
    ensures
        v@ == nat_digits(n as nat),
{
    let mut v: Vec<char> = Vec::new();
    let mut x = n;
    loop
        invariant
            nat_digits(n as nat) == nat_digits(x as nat) + v@,
        decreases x,
    {
        let c = digit_to_char(x % 10);
        v.insert(0, c);
        if x < 10 {
            proof {
                assert(nat_digits(x as nat) == seq![c]);
                assert(nat_digits(n as nat) =~= v@);
            }
            return v;
        }
        proof {
            let t = nat_digits((x / 10) as nat);
            assert(nat_digits(x as nat) == t.push(c));
            assert(t.push(c) + v@.drop_first() =~= t + v@);
        }
        x = x / 10;
    }
}

/// The digit string of `n`, left-padded with zeros to at least `width` characters.
pub fn u128_padded_digits(n: u128, width: usize) -> (v: Vec<char>)
    ensures
        v@ == padded_digits(n as nat, width as nat),
{
    let d = u128_digits(n);
    if d.len() >= width {
        d
    } else {
        let k = width - d.len();
        let mut v: Vec<char> = Vec::new();
        let mut i: usize = 0;
        while i < k
            invariant
                i <= k,
                v@ == zeros(i as nat),
            decreases k - i,
        {
            v.push('0');
            proof {
                assert(v@ =~= zeros((i + 1) as nat));
            }
            i = i + 1;
        }
        let mut j: usize = 0;
        while j < d.len()
            invariant
                j <= d.len(),
                v@ == zeros(k as nat) + d@.take(j as int),
            decreases d.len() - j,
        {
            v.push(d[j]);
            proof {
                assert(d@.take(j + 1) == d@.take(j as int).push(d@[j as int]));
                assert(v@ =~= zeros(k as nat) + d@.take(j + 1));
            }
            j = j + 1;
        }
        proof {
            assert(d@.take(d.len() as int) =~= d@);
        }
        v
    }
}

} // verus!
